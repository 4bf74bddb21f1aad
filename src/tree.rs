use std::collections::VecDeque;

use vstd::hash_map::StringHashMap;
use vstd::hash_set::StringHashSet;
use vstd::prelude::*;

use crate::link_gatherer::{ErrorView, URLContentGetterError};
use crate::link_map::{LinkMap, LinkMapValue, LinkMapView, LinkView};
use crate::strings::{decimal, push_decimal};

verus! {

// ---------------------------------------------------------------------------------------------
// The rendering, as a traversal over mathematical values.
// ---------------------------------------------------------------------------------------------

/// One pending visit of the traversal: the URL, for each depth above it whether a later sibling
/// is still to come there, and the URLs on the path from the root to it.
pub struct FrameView {
    pub url: Seq<char>,
    pub active: Seq<bool>,
    pub parents: Seq<Seq<char>>,
}

impl FrameView {
    /// The depth of the frame: the root is at depth 0.
    pub open spec fn level(self) -> nat {
        self.parents.len()
    }
}

/// The state of the traversal: the frames still to visit, front first, and the URLs whose links
/// have been laid out already.
pub struct RenderState {
    pub stack: Seq<FrameView>,
    pub expanded: Set<Seq<char>>,
}

/// How a visited frame is shown.
pub enum Disposition {
    /// The URL is an ancestor of the frame.
    Cycle,
    /// The URL has been laid out elsewhere, or is still to be visited further on.
    Shared,
    /// The URL is laid out here, with its links below it.
    Expand,
}

/// The number of frames of `s` that visit `u`.
pub open spec fn pending_count(s: Seq<FrameView>, u: Seq<char>) -> nat
    decreases s.len(),
{
    if s.len() == 0 {
        0
    } else {
        (if s[0].url == u { 1nat } else { 0nat }) + pending_count(s.drop_first(), u)
    }
}

/// The depth of the next frame to visit, or -1 when none is left.
pub open spec fn next_level(rest: Seq<FrameView>) -> int {
    if rest.len() > 0 {
        rest[0].level() as int
    } else {
        -1
    }
}

pub open spec fn disposition(st: RenderState) -> Disposition {
    let f = st.stack[0];
    let rest = st.stack.drop_first();
    if f.parents.contains(f.url) {
        Disposition::Cycle
    } else if st.expanded.contains(f.url) || pending_count(rest, f.url) > 0 {
        Disposition::Shared
    } else {
        Disposition::Expand
    }
}

/// The `active` flags handed to the children of the front frame.
pub open spec fn child_active(st: RenderState) -> Seq<bool> {
    let f = st.stack[0];
    if f.level() > 0 {
        f.active.push(f.level() as int == next_level(st.stack.drop_first()))
    } else {
        f.active
    }
}

/// The frames for `links`, children of `f`, in order.
pub open spec fn child_frames(links: Seq<Seq<char>>, f: FrameView, active: Seq<bool>) -> Seq<FrameView> {
    links.map_values(|x: Seq<char>| FrameView { url: x, active: active, parents: f.parents.push(f.url) })
}

/// The links recorded for `u`, or none.
pub open spec fn links_of(lm: LinkMapView, u: Seq<char>) -> Seq<Seq<char>> {
    if lm.map.contains_key(u) && lm.map[u] is Links {
        lm.map[u]->Links_0
    } else {
        Seq::empty()
    }
}

/// The state after visiting the front frame.
pub open spec fn next_state(lm: LinkMapView, st: RenderState) -> RenderState {
    let f = st.stack[0];
    let rest = st.stack.drop_first();
    if disposition(st) is Expand {
        RenderState {
            stack: child_frames(links_of(lm, f.url), f, child_active(st)) + rest,
            expanded: st.expanded.insert(f.url),
        }
    } else {
        RenderState { stack: rest, expanded: st.expanded }
    }
}

pub open spec fn bar_column() -> Seq<char> {
    seq!['\u{2502}', ' ', ' ']
}

pub open spec fn blank_column() -> Seq<char> {
    seq![' ', ' ', ' ']
}

pub open spec fn tee_branch() -> Seq<char> {
    seq!['\u{251C}', '\u{2500}', '\u{2500}']
}

pub open spec fn elbow_branch() -> Seq<char> {
    seq!['\u{2514}', '\u{2500}', '\u{2500}']
}

pub open spec fn cycle_mark() -> Seq<char> {
    seq![' ', '\u{27F3}']
}

pub open spec fn shared_mark() -> Seq<char> {
    seq![' ', '\u{1F517}']
}

pub open spec fn note_prefix() -> Seq<char> {
    seq![' ', '-', ' ', '\u{1F635}', ' ']
}

/// The padding of the first `n` columns.
pub open spec fn columns(active: Seq<bool>, n: nat) -> Seq<char>
    decreases n,
{
    if n == 0 {
        Seq::empty()
    } else {
        let i = n - 1;
        columns(active, (n - 1) as nat) + if i < active.len() && active[i] {
            bar_column()
        } else {
            blank_column()
        }
    }
}

/// The indentation of a line at depth `level`: a padding column for each depth above it and
/// then the branch, `├──` when `tee` and `└──` otherwise. The root line has none.
pub open spec fn indent(level: nat, active: Seq<bool>, tee: bool) -> Seq<char> {
    if level == 0 {
        Seq::empty()
    } else {
        columns(active, (level - 1) as nat) + if tee {
            tee_branch()
        } else {
            elbow_branch()
        }
    }
}

/// The annotation of a URL whose fetch failed.
pub open spec fn error_note(e: ErrorView) -> Seq<char> {
    match e {
        ErrorView::Request(code) => note_prefix() + decimal(code as nat),
        ErrorView::Content(msg) => note_prefix() + seq!['"'] + msg + seq!['"'],
    }
}

/// The line written for the front frame.
pub open spec fn line(lm: LinkMapView, st: RenderState) -> Seq<char> {
    let f = st.stack[0];
    let rest = st.stack.drop_first();
    let mark = match disposition(st) {
        Disposition::Cycle => cycle_mark(),
        Disposition::Shared => shared_mark(),
        Disposition::Expand => Seq::empty(),
    };
    let note = if disposition(st) is Expand && lm.map.contains_key(f.url) && lm.map[f.url] is Error {
        error_note(lm.map[f.url]->Error_0)
    } else {
        Seq::empty()
    };
    indent(f.level(), f.active, f.level() as int <= next_level(rest)) + f.url + mark + note
        + seq!['\n']
}

/// The URLs of the map that have not been laid out yet.
pub open spec fn unexpanded(lm: LinkMapView, st: RenderState) -> Set<Seq<char>> {
    lm.map.dom().difference(st.expanded)
}

pub proof fn lemma_next_state_decreases(lm: LinkMapView, st: RenderState)
    requires
        lm.map.dom().finite(),
        st.stack.len() > 0,
    ensures
        unexpanded(lm, next_state(lm, st)).len() < unexpanded(lm, st).len() || (unexpanded(
            lm,
            next_state(lm, st),
        ) == unexpanded(lm, st) && next_state(lm, st).stack.len() < st.stack.len()),
{
    let f = st.stack[0];
    let nx = next_state(lm, st);
    if disposition(st) is Expand {
        if lm.map.contains_key(f.url) {
            assert(unexpanded(lm, nx) =~= unexpanded(lm, st).remove(f.url));
            assert(unexpanded(lm, st).contains(f.url));
        } else {
            assert(unexpanded(lm, nx) =~= unexpanded(lm, st));
        }
    }
}

/// The text written from state `st` on, one line per visited frame.
pub open spec fn render_from(lm: LinkMapView, st: RenderState) -> Seq<char>
    decreases unexpanded(lm, st).len(), st.stack.len(),
    when lm.map.dom().finite()
{
    if st.stack.len() == 0 {
        Seq::empty()
    } else {
        proof {
            lemma_next_state_decreases(lm, st);
        }
        line(lm, st) + render_from(lm, next_state(lm, st))
    }
}

/// The traversal starts with the root alone.
pub open spec fn initial_state(lm: LinkMapView) -> RenderState {
    RenderState {
        stack: seq![FrameView { url: lm.root, active: Seq::empty(), parents: Seq::empty() }],
        expanded: Set::empty(),
    }
}

/// The tree text of a link map.
pub open spec fn render(lm: LinkMapView) -> Seq<char> {
    render_from(lm, initial_state(lm))
}

// ---------------------------------------------------------------------------------------------
// The traversal, executed.
// ---------------------------------------------------------------------------------------------

/// For each URL, how many frames still to visit name it, and whether its links have been
/// laid out already.
pub struct CountMap {
    counts: StringHashMap<usize>,
    done: StringHashSet,
}

impl CountMap {
    /// How many pending frames name `u`.
    pub closed spec fn pending(&self, u: Seq<char>) -> nat {
        if self.counts@.contains_key(u) {
            self.counts@[u] as nat
        } else {
            0
        }
    }

    /// The URLs whose links have been laid out.
    pub closed spec fn expanded(&self) -> Set<Seq<char>> {
        self.done@
    }

    pub fn new() -> (r: CountMap)
        ensures
            forall|u: Seq<char>| r.pending(u) == 0,
            r.expanded() == Set::<Seq<char>>::empty(),
    {
        CountMap { counts: StringHashMap::new(), done: StringHashSet::new() }
    }

    /// One more pending frame names `url`.
    pub fn increment(&mut self, url: &str)
        requires
            old(self).pending(url@) < usize::MAX,
        ensures
            final(self).pending(url@) == old(self).pending(url@) + 1,
            forall|u: Seq<char>| u != url@ ==> final(self).pending(u) == old(self).pending(u),
            final(self).expanded() == old(self).expanded(),
    {
        let n: usize = match self.counts.get(url) {
            Some(c) => *c,
            None => 0,
        };
        self.counts.insert(url.to_owned(), n + 1);
    }

    /// One pending frame that named `url` is gone; a count of zero stays zero.
    pub fn decrement(&mut self, url: &str)
        ensures
            final(self).pending(url@) == if old(self).pending(url@) > 0 {
                (old(self).pending(url@) - 1) as nat
            } else {
                0
            },
            forall|u: Seq<char>| u != url@ ==> final(self).pending(u) == old(self).pending(u),
            final(self).expanded() == old(self).expanded(),
    {
        match self.counts.get(url) {
            Some(c) => {
                if *c > 0 {
                    let n: usize = *c - 1;
                    self.counts.insert(url.to_owned(), n);
                }
            },
            None => {},
        }
    }

    /// The links of `url` are laid out: any later frame for it is a shared reference.
    pub fn processed(&mut self, url: &str)
        ensures
            final(self).expanded() == old(self).expanded().insert(url@),
            forall|u: Seq<char>| final(self).pending(u) == old(self).pending(u),
    {
        self.done.insert(url.to_owned());
    }

    /// Whether `url` has been laid out already or a pending frame still names it.
    pub fn is_queued_for_processing(&self, url: &str) -> (r: bool)
        ensures
            r == (self.expanded().contains(url@) || self.pending(url@) > 0),
    {
        if self.done.contains(url) {
            return true;
        }
        match self.counts.get(url) {
            Some(c) => *c > 0,
            None => false,
        }
    }
}

/// A pending visit of the traversal.
struct Item {
    url: String,
    active: Vec<bool>,
    parents: Vec<String>,
}

impl View for Item {
    type V = FrameView;

    closed spec fn view(&self) -> FrameView {
        FrameView { url: self.url@, active: self.active@, parents: self.parents.deep_view() }
    }
}

spec fn frames_view(dfs: Seq<Item>) -> Seq<FrameView> {
    dfs.map_values(|i: Item| i@)
}

/// The indentation of a line at depth `level` (see [`indent`]).
fn get_indent(level: usize, active_levels: &Vec<bool>, is_tail: bool) -> (r: String)
    ensures
        r@ == indent(level as nat, active_levels@, is_tail),
{
    let mut out = String::new();
    if level == 0 {
        return out;
    }
    let mut x: usize = 0;
    while x < level - 1
        invariant
            0 < level,
            x <= level - 1,
            out@ == columns(active_levels@, x as nat),
        decreases level - 1 - x,
    {
        if x < active_levels.len() && active_levels[x] {
            proof { reveal_strlit("\u{2502}  "); }
            out.append("\u{2502}  ");
        } else {
            proof { reveal_strlit("   "); }
            out.append("   ");
        }
        x = x + 1;
    }
    if is_tail {
        proof { reveal_strlit("\u{251C}\u{2500}\u{2500}"); }
        out.append("\u{251C}\u{2500}\u{2500}");
    } else {
        proof { reveal_strlit("\u{2514}\u{2500}\u{2500}"); }
        out.append("\u{2514}\u{2500}\u{2500}");
    }
    out
}

/// The depth of the next frame to visit, if any.
fn get_next_level(dfs: &VecDeque<Item>) -> (r: Option<usize>)
    ensures
        match r {
            Some(n) => dfs@.len() > 0 && n == dfs@[0]@.level(),
            None => dfs@.len() == 0,
        },
{
    if dfs.len() > 0 {
        Some(dfs[0].parents.len())
    } else {
        None
    }
}

/// Whether `url` is among `parents`.
fn is_parent(parents: &Vec<String>, url: &String) -> (r: bool)
    ensures
        r == parents.deep_view().contains(url@),
{
    let mut i: usize = 0;
    while i < parents.len()
        invariant
            i <= parents.len(),
            forall|j: int| 0 <= j < i ==> parents.deep_view()[j] != url@,
        decreases parents.len() - i,
    {
        if parents[i] == *url {
            assert(parents.deep_view()[i as int] == url@);
            return true;
        }
        i = i + 1;
    }
    false
}

/// The annotation of a failed URL (see [`error_note`]).
fn push_error_note(out: &mut String, err: &URLContentGetterError)
    ensures
        final(out)@ == old(out)@ + error_note(err@),
{
    proof { reveal_strlit(" - \u{1F635} "); }
    out.append(" - \u{1F635} ");
    match err {
        URLContentGetterError::Request(code) => {
            push_decimal(out, *code as u64);
        },
        URLContentGetterError::Content(text) => {
            proof { reveal_strlit("\""); }
            out.append("\"");
            out.append(text.as_str());
            out.append("\"");
        },
    }
    assert(final(out)@ =~= old(out)@ + error_note(err@));
}

pub proof fn lemma_pending_count_prepend(a: FrameView, s: Seq<FrameView>, u: Seq<char>)
    ensures
        pending_count(seq![a] + s, u) == (if a.url == u { 1nat } else { 0nat }) + pending_count(s, u),
{
    assert((seq![a] + s).drop_first() =~= s);
}

pub proof fn lemma_pending_count_bound(s: Seq<FrameView>, u: Seq<char>)
    ensures
        pending_count(s, u) <= s.len(),
    decreases s.len(),
{
    if s.len() > 0 {
        lemma_pending_count_bound(s.drop_first(), u);
    }
}

/// `std::fmt::Error`, the error of writing formatted text.
#[verifier::external_type_specification]
#[verifier::external_body]
pub struct ExFmtError(std::fmt::Error);

/// Renders the link map as a tree of text lines, from its root.
///
/// Each frame of a depth-first traversal gives one line: the root alone at first, and the links
/// of a URL laid out below it in their order. A URL already on the path to the line is marked
/// ` ⟳` and not expanded; one laid out elsewhere, or still to be visited further on, is marked
/// ` 🔗` and not expanded; a failed URL that is neither gets its error annotation. Writing into
/// a `String` does not fail, so the result is always `Ok`.
pub fn to_tree(link_map: &LinkMap) -> (r: Result<String, std::fmt::Error>)
    requires
        link_map.wf(),
    ensures
        r matches Ok(t) && t@ == render(link_map@),
{
    proof {
        link_map.lemma_finite();
    }
    let ghost lm = link_map@;
    let mut output = String::new();
    let mut visited = CountMap::new();
    let mut dfs: VecDeque<Item> = VecDeque::new();
    let first = Item { url: link_map.root().to_owned(), active: Vec::new(), parents: Vec::new() };
    proof {
        assert(first@.parents =~= Seq::<Seq<char>>::empty());
        assert(first@.active =~= Seq::<bool>::empty());
        assert(first@ == initial_state(lm).stack[0]);
    }
    dfs.push_back(first);
    visited.increment(link_map.root());
    let ghost mut st = initial_state(lm);
    proof {
        assert(frames_view(dfs@) =~= st.stack);
        assert forall|u: Seq<char>| visited.pending(u) == pending_count(st.stack, u) by {
            lemma_pending_count_prepend(st.stack[0], Seq::empty(), u);
            assert(seq![st.stack[0]] + Seq::<FrameView>::empty() =~= st.stack);
        }
        assert(output@ + render_from(lm, st) =~= render(lm));
    }
    while dfs.len() > 0
        invariant
            lm == link_map@,
            lm.map.dom().finite(),
            frames_view(dfs@) == st.stack,
            visited.expanded() == st.expanded,
            forall|u: Seq<char>| visited.pending(u) == pending_count(st.stack, u),
            output@ + render_from(lm, st) == render(lm),
        decreases unexpanded(lm, st).len(), st.stack.len(),
    {
        let item = dfs.pop_front().unwrap();
        let ghost f = st.stack[0];
        let ghost rest = st.stack.drop_first();
        proof {
            assert(frames_view(dfs@) =~= rest);
            assert(item@ == f);
            assert(st.stack =~= seq![f] + rest);
            assert forall|u: Seq<char>| #[trigger] pending_count(st.stack, u) == (if f.url == u { 1nat } else { 0nat }) + pending_count(rest, u) by {
                lemma_pending_count_prepend(f, rest, u);
            }
        }
        visited.decrement(item.url.as_str());
        let next = get_next_level(&dfs);
        let level = item.parents.len();
        let is_tail = match next {
            Some(n) => level <= n,
            None => false,
        };
        let mut new_active = item.active.clone();
        if level > 0 {
            let flag = match next {
                Some(n) => level == n,
                None => false,
            };
            new_active.push(flag);
        }
        proof {
            assert(new_active@ =~= child_active(st));
        }
        let cycle = is_parent(&item.parents, &item.url);
        let shared = !cycle && visited.is_queued_for_processing(item.url.as_str());
        if !cycle && !shared {
            visited.processed(item.url.as_str());
            match link_map.get(item.url.as_str()) {
                Some(LinkMapValue::Links(links)) => {
                    let mut new_parents = item.parents.clone();
                    new_parents.push(item.url.clone());
                    let ghost children = child_frames(links_of(lm, f.url), f, child_active(st));
                    proof {
                        assert(new_parents.deep_view() =~= f.parents.push(f.url));
                        assert(links.deep_view() == links_of(lm, f.url));
                        assert(children.skip(links.len() as int) + rest =~= rest);
                    }
                    let mut j: usize = links.len();
                    while j > 0
                        invariant
                            j <= links.len(),
                            links.deep_view() == links_of(lm, f.url),
                            children == child_frames(links_of(lm, f.url), f, child_active(st)),
                            new_active@ == child_active(st),
                            new_parents.deep_view() == f.parents.push(f.url),
                            frames_view(dfs@) == children.skip(j as int) + rest,
                            forall|u: Seq<char>| visited.pending(u) == pending_count(frames_view(dfs@), u),
                            visited.expanded() == st.expanded.insert(f.url),
                        decreases j,
                    {
                        j = j - 1;
                        let child = Item { url: links[j].clone(), active: new_active.clone(), parents: new_parents.clone() };
                        let ghost before = frames_view(dfs@);
                        proof {
                            assert(child@.active =~= new_active@);
                            assert(child@.parents =~= new_parents.deep_view());
                            assert(child@ == children[j as int]);
                        }
                        dfs.push_front(child);
                        let len = dfs.len();
                        proof {
                            assert(frames_view(dfs@) =~= seq![children[j as int]] + before);
                            assert(children.skip(j as int) =~= seq![children[j as int]] + children.skip(j + 1));
                            assert(frames_view(dfs@) =~= children.skip(j as int) + rest);
                            lemma_pending_count_prepend(children[j as int], before, links.deep_view()[j as int]);
                            lemma_pending_count_bound(frames_view(dfs@), links.deep_view()[j as int]);
                        }
                        visited.increment(links[j].as_str());
                        proof {
                            assert forall|u: Seq<char>| visited.pending(u) == pending_count(frames_view(dfs@), u) by {
                                lemma_pending_count_prepend(children[j as int], before, u);
                            }
                        }
                    }
                    proof {
                        assert(children.skip(0) =~= children);
                    }
                },
                _ => {
                    proof {
                        assert(links_of(lm, f.url) =~= Seq::<Seq<char>>::empty());
                        assert(frames_view(dfs@) =~= child_frames(links_of(lm, f.url), f, child_active(st)) + rest);
                    }
                },
            }
        }
        let mut text = get_indent(level, &item.active, is_tail);
        text.append(item.url.as_str());
        if cycle {
            proof { reveal_strlit(" \u{27F3}"); }
            text.append(" \u{27F3}");
        } else if shared {
            proof { reveal_strlit(" \u{1F517}"); }
            text.append(" \u{1F517}");
        } else {
            match link_map.get(item.url.as_str()) {
                Some(LinkMapValue::Error(err)) => {
                    push_error_note(&mut text, err);
                },
                _ => {},
            }
        }
        proof { reveal_strlit("\n"); }
        text.append("\n");
        proof {
            assert(text@ =~= line(lm, st));
            assert(render_from(lm, st) == line(lm, st) + render_from(lm, next_state(lm, st)));
        }
        output.append(text.as_str());
        proof {
            lemma_next_state_decreases(lm, st);
            assert(output@ + render_from(lm, next_state(lm, st)) =~= render(lm));
            st = next_state(lm, st);
        }
    }
    proof {
        assert(output@ =~= output@ + render_from(lm, st));
    }
    Ok(output)
}

impl LinkMap {
    /// The tree text of this map (see [`to_tree`]).
    pub fn to_tree(&self) -> (r: String)
        requires
            self.wf(),
        ensures
            r@ == render(self@),
    {
        match to_tree(self) {
            Ok(tree) => tree,
            Err(_) => String::new(),
        }
    }
}

// ---------------------------------------------------------------------------------------------
// Laws of the rendering.
// ---------------------------------------------------------------------------------------------

/// The number of visits from state `st` on that lay out the links of `u`.
pub open spec fn expansions(lm: LinkMapView, st: RenderState, u: Seq<char>) -> nat
    decreases unexpanded(lm, st).len(), st.stack.len(),
    when lm.map.dom().finite()
{
    if st.stack.len() == 0 {
        0
    } else {
        proof {
            lemma_next_state_decreases(lm, st);
        }
        (if disposition(st) is Expand && st.stack[0].url == u { 1nat } else { 0nat })
            + expansions(lm, next_state(lm, st), u)
    }
}

proof fn lemma_expansions_from(lm: LinkMapView, st: RenderState, u: Seq<char>)
    requires
        lm.map.dom().finite(),
    ensures
        expansions(lm, st, u) <= 1,
        st.expanded.contains(u) ==> expansions(lm, st, u) == 0,
    decreases unexpanded(lm, st).len(), st.stack.len(),
{
    if st.stack.len() > 0 {
        lemma_next_state_decreases(lm, st);
        let nx = next_state(lm, st);
        lemma_expansions_from(lm, nx, u);
        if disposition(st) is Expand {
            assert(nx.expanded.contains(st.stack[0].url));
        }
        if st.expanded.contains(u) {
            assert(nx.expanded.contains(u));
        }
    }
}

/// The links of a URL are laid out at most once in the whole tree: every other frame that
/// names it is a leaf, marked as a cycle or as a shared reference.
pub proof fn lemma_expanded_at_most_once(lm: LinkMapView, u: Seq<char>)
    requires
        lm.map.dom().finite(),
    ensures
        expansions(lm, initial_state(lm), u) <= 1,
{
    lemma_expansions_from(lm, initial_state(lm), u);
}

/// Two link maps with the same root and the same value for each URL render to the same text.
pub proof fn lemma_render_depends_on_view(a: &LinkMap, b: &LinkMap)
    requires
        a@.root == b@.root,
        a@.map =~= b@.map,
    ensures
        render(a@) == render(b@),
{
    assert(a@ == b@);
}

/// The order in which two URLs were recorded does not change the tree.
pub proof fn lemma_render_ignores_insertion_order(
    lm: LinkMapView,
    u1: Seq<char>,
    v1: LinkView,
    u2: Seq<char>,
    v2: LinkView,
)
    requires
        u1 != u2,
    ensures
        render(LinkMapView { root: lm.root, map: lm.map.insert(u1, v1).insert(u2, v2) }) == render(
            LinkMapView { root: lm.root, map: lm.map.insert(u2, v2).insert(u1, v1) },
        ),
{
    assert(lm.map.insert(u1, v1).insert(u2, v2) =~= lm.map.insert(u2, v2).insert(u1, v1));
}

/// The number of frames visited from state `st` on: one line of text each.
pub open spec fn visits(lm: LinkMapView, st: RenderState) -> nat
    decreases unexpanded(lm, st).len(), st.stack.len(),
    when lm.map.dom().finite()
{
    if st.stack.len() == 0 {
        0
    } else {
        proof {
            lemma_next_state_decreases(lm, st);
        }
        1 + visits(lm, next_state(lm, st))
    }
}

/// The number of links laid out below the URLs expanded from state `st` on.
pub open spec fn laid_out_links(lm: LinkMapView, st: RenderState) -> nat
    decreases unexpanded(lm, st).len(), st.stack.len(),
    when lm.map.dom().finite()
{
    if st.stack.len() == 0 {
        0
    } else {
        proof {
            lemma_next_state_decreases(lm, st);
        }
        (if disposition(st) is Expand { links_of(lm, st.stack[0].url).len() } else { 0 })
            + laid_out_links(lm, next_state(lm, st))
    }
}

/// A frame marked as a cycle or a shared reference is a leaf: nothing is laid out below it,
/// and its line carries the marker and no error note.
pub proof fn lemma_marked_frames_are_leaves(lm: LinkMapView, st: RenderState)
    requires
        st.stack.len() > 0,
    ensures
        !(disposition(st) is Expand) ==> next_state(lm, st).stack == st.stack.drop_first(),
        disposition(st) is Cycle ==> line(lm, st) == indent(
            st.stack[0].level(),
            st.stack[0].active,
            st.stack[0].level() as int <= next_level(st.stack.drop_first()),
        ) + st.stack[0].url + cycle_mark() + seq!['\n'],
        disposition(st) is Shared ==> line(lm, st) == indent(
            st.stack[0].level(),
            st.stack[0].active,
            st.stack[0].level() as int <= next_level(st.stack.drop_first()),
        ) + st.stack[0].url + shared_mark() + seq!['\n'],
{
    let f = st.stack[0];
    let ind = indent(f.level(), f.active, f.level() as int <= next_level(st.stack.drop_first()));
    if disposition(st) is Cycle {
        assert(line(lm, st) =~= ind + f.url + cycle_mark() + seq!['\n']);
    }
    if disposition(st) is Shared {
        assert(line(lm, st) =~= ind + f.url + shared_mark() + seq!['\n']);
    }
}

proof fn lemma_visits_from(lm: LinkMapView, st: RenderState)
    requires
        lm.map.dom().finite(),
    ensures
        visits(lm, st) == st.stack.len() + laid_out_links(lm, st),
    decreases unexpanded(lm, st).len(), st.stack.len(),
{
    if st.stack.len() > 0 {
        lemma_next_state_decreases(lm, st);
        lemma_visits_from(lm, next_state(lm, st));
    }
}

/// The tree has one line for the root and one for each link laid out below an expanded URL;
/// each URL is expanded at most once, so the rendering ends even on a cyclic map.
pub proof fn lemma_tree_line_count(lm: LinkMapView, u: Seq<char>)
    requires
        lm.map.dom().finite(),
    ensures
        visits(lm, initial_state(lm)) == 1 + laid_out_links(lm, initial_state(lm)),
        expansions(lm, initial_state(lm), u) <= 1,
{
    lemma_visits_from(lm, initial_state(lm));
    lemma_expanded_at_most_once(lm, u);
}

} // verus!
