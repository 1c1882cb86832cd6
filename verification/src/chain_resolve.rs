//! Class-member lookup and member-access chains.
//!
//! A class is an index entry of kind [`SymbolKind::Class`]; its members are
//! the declarations of the same file that lie inside its range. A member that
//! a class does not declare is looked for in the class it extends, and so on
//! upwards.

use vstd::prelude::*;

use crate::document::covers;
use crate::model::{
    answers, first, lemma_first_at_is, lemma_views_push, opt_view, total, views,
};
use crate::symbols::{EntryView, IndexEntry, Symbol, SymbolKind, SymbolView, WorkspaceIndex};
use crate::text::{copy_str, is_text, parts, split, split_char, str_eq, to_chars, to_text};

verus! {

/// How many classes of an inheritance chain a lookup visits.
pub const MAX_INHERITANCE_HOPS: usize = 16;

/// How many members may stand between the root of a chain and its target.
pub const MAX_INTERMEDIATE_HOPS: usize = 2;

/// Which kinds of declarations a member lookup accepts.
#[derive(Debug, Clone, Copy, PartialEq, Eq, Structural)]
pub enum MemberKinds {
    /// Methods.
    Methods,
    /// Variables, ports and parameters.
    Fields,
}

impl MemberKinds {
    /// Whether `kind` is accepted.
    pub open spec fn accepts(self, kind: SymbolKind) -> bool {
        match self {
            MemberKinds::Methods => kind == SymbolKind::Method,
            MemberKinds::Fields => kind == SymbolKind::Variable || kind == SymbolKind::Port || kind
                == SymbolKind::Parameter,
        }
    }

    /// Whether `kind` is accepted.
    pub fn matches(self, kind: SymbolKind) -> (r: bool)
        ensures
            r == self.accepts(kind),
    {
        match self {
            MemberKinds::Methods => kind == SymbolKind::Method,
            MemberKinds::Fields => kind == SymbolKind::Variable || kind == SymbolKind::Port || kind
                == SymbolKind::Parameter,
        }
    }
}

// ---------------------------------------------------------------------------
// One class
// ---------------------------------------------------------------------------

/// Accepts the class called `name`.
pub open spec fn class_named(name: Seq<char>) -> spec_fn(EntryView) -> bool {
    |e: EntryView| e.symbol.name == name && e.symbol.kind == SymbolKind::Class
}

/// The first class called `name` in the index.
pub open spec fn class_entry(ix: Seq<EntryView>, name: Seq<char>) -> Option<EntryView> {
    first(ix, class_named(name))
}

/// Whether `e` is declared inside the body of the class `class`.
pub open spec fn in_body(class: EntryView, e: EntryView) -> bool {
    e.url == class.url && covers(class.symbol.full_range, e.symbol.full_range)
}

/// Accepts the members of `class` called `name` of the wanted kinds.
pub open spec fn member_named(
    class: EntryView,
    name: Seq<char>,
    kinds: MemberKinds,
) -> spec_fn(EntryView) -> bool {
    |e: EntryView| e.symbol.name == name && in_body(class, e) && kinds.accepts(e.symbol.kind)
}

/// The first declaration of `name` inside the body of `class`.
pub open spec fn member_of(
    ix: Seq<EntryView>,
    class: EntryView,
    name: Seq<char>,
    kinds: MemberKinds,
) -> Option<EntryView> {
    first(ix, member_named(class, name, kinds))
}

/// The first class called `name`.
pub fn find_class<'a>(wi: &'a WorkspaceIndex, name: &str) -> (r: Option<&'a IndexEntry>)
    ensures
        opt_view(r) == class_entry(wi@, name@),
{
    let entries = wi.entries();
    let mut i: usize = 0;
    while i < entries.len()
        invariant
            views(entries@) == wi@,
            i <= entries@.len(),
            forall|k: int| 0 <= k < i ==> !class_named(name@)(#[trigger] wi@[k]),
        decreases entries@.len() - i,
    {
        let e = &entries[i];
        assert(wi@[i as int] == e@);
        if e.symbol.kind == SymbolKind::Class && str_eq(e.symbol.name.as_str(), name) {
            proof {
                lemma_first_at_is(wi@, class_named(name@), 0, i as int);
            }
            return Some(e);
        }
        i = i + 1;
    }
    proof {
        lemma_first_at_is(wi@, class_named(name@), 0, i as int);
    }
    None
}

/// The first declaration of `name` inside the body of `class`.
pub fn find_member_of<'a>(
    wi: &'a WorkspaceIndex,
    class: &IndexEntry,
    name: &str,
    kinds: MemberKinds,
) -> (r: Option<&'a IndexEntry>)
    ensures
        opt_view(r) == member_of(wi@, class@, name@, kinds),
{
    let ghost p = member_named(class@, name@, kinds);
    let entries = wi.entries();
    let mut i: usize = 0;
    while i < entries.len()
        invariant
            p == member_named(class@, name@, kinds),
            views(entries@) == wi@,
            i <= entries@.len(),
            forall|k: int| 0 <= k < i ==> !p(#[trigger] wi@[k]),
        decreases entries@.len() - i,
    {
        let e = &entries[i];
        assert(wi@[i as int] == e@);
        if str_eq(e.symbol.name.as_str(), name) && str_eq(e.url.as_str(), class.url.as_str())
            && class.symbol.full_range.contains_range(e.symbol.full_range) && kinds.matches(
            e.symbol.kind,
        ) {
            proof {
                lemma_first_at_is(wi@, p, 0, i as int);
            }
            return Some(e);
        }
        i = i + 1;
    }
    proof {
        lemma_first_at_is(wi@, p, 0, i as int);
    }
    None
}

// ---------------------------------------------------------------------------
// Inheritance
// ---------------------------------------------------------------------------

/// The nearest declaration of `member` in the class called `class` and the
/// classes above it, at most `hops` classes in all, with the name of the class
/// that declares it.
pub open spec fn find_up(
    ix: Seq<EntryView>,
    class: Seq<char>,
    member: Seq<char>,
    kinds: MemberKinds,
    hops: nat,
) -> Option<(Seq<char>, EntryView)>
    decreases hops,
{
    if hops == 0 {
        None
    } else {
        match class_entry(ix, class) {
            None => None,
            Some(c) => match member_of(ix, c, member, kinds) {
                Some(e) => Some((class, e)),
                None => match c.symbol.parent_class_name {
                    None => None,
                    Some(parent) => find_up(ix, parent, member, kinds, (hops - 1) as nat),
                },
            },
        }
    }
}

/// The class called `class` exists, does not declare `member`, and extends
/// the class called `parent`.
pub open spec fn ascends(
    ix: Seq<EntryView>,
    class: Seq<char>,
    member: Seq<char>,
    kinds: MemberKinds,
    parent: Seq<char>,
) -> bool {
    match class_entry(ix, class) {
        None => false,
        Some(c) => member_of(ix, c, member, kinds) is None && c.symbol.parent_class_name == Some(
            parent,
        ),
    }
}

/// A set of classes that only ascend to one another never yields the member.
proof fn lemma_closed_path(
    ix: Seq<EntryView>,
    path: Seq<Seq<char>>,
    next: Seq<int>,
    member: Seq<char>,
    kinds: MemberKinds,
    i: int,
    hops: nat,
)
    requires
        0 <= i < path.len(),
        next.len() == path.len(),
        forall|k: int| 0 <= k < path.len() ==> 0 <= #[trigger] next[k] < path.len(),
        forall|k: int|
            0 <= k < path.len() ==> #[trigger] ascends(
                ix,
                path[k],
                member,
                kinds,
                path[next[k]],
            ),
    ensures
        find_up(ix, path[i], member, kinds, hops) is None,
    decreases hops,
{
    if hops > 0 {
        assert(ascends(ix, path[i], member, kinds, path[next[i]]));
        lemma_closed_path(ix, path, next, member, kinds, next[i], (hops - 1) as nat);
    }
}

/// What an inheritance lookup returns: the declaring class, and the entry.
pub open spec fn found_view(o: Option<(String, &IndexEntry)>) -> Option<(Seq<char>, EntryView)> {
    match o {
        Some((c, e)) => Some((c@, e@)),
        None => None,
    }
}

/// Looks `member_name` up in the class `class_name` and the classes above it,
/// nearest first. Gives up after [`MAX_INHERITANCE_HOPS`] classes, and on an
/// inheritance cycle.
pub fn find_member_in_class_chain<'a>(
    wi: &'a WorkspaceIndex,
    class_name: &str,
    member_name: &str,
    kinds: MemberKinds,
) -> (r: Option<(String, &'a IndexEntry)>)
    ensures
        found_view(r) == find_up(
            wi@,
            class_name@,
            member_name@,
            kinds,
            MAX_INHERITANCE_HOPS as nat,
        ),
{
    let mut current = copy_str(class_name);
    let mut visited: Vec<String> = Vec::new();
    let mut hop: usize = 0;
    while hop < MAX_INHERITANCE_HOPS
        invariant
            hop <= MAX_INHERITANCE_HOPS,
            visited@.len() == hop,
            forall|k: int|
                0 <= k < hop ==> ascends(
                    wi@,
                    #[trigger] visited@[k]@,
                    member_name@,
                    kinds,
                    if k + 1 < hop {
                        visited@[k + 1]@
                    } else {
                        current@
                    },
                ),
            find_up(wi@, class_name@, member_name@, kinds, MAX_INHERITANCE_HOPS as nat) == find_up(
                wi@,
                current@,
                member_name@,
                kinds,
                (MAX_INHERITANCE_HOPS - hop) as nat,
            ),
        decreases MAX_INHERITANCE_HOPS - hop,
    {
        let mut k: usize = 0;
        while k < visited.len()
            invariant
                k <= visited@.len() == hop,
                hop < MAX_INHERITANCE_HOPS,
                forall|k: int|
                    0 <= k < hop ==> ascends(
                        wi@,
                        #[trigger] visited@[k]@,
                        member_name@,
                        kinds,
                        if k + 1 < hop {
                            visited@[k + 1]@
                        } else {
                            current@
                        },
                    ),
                find_up(wi@, class_name@, member_name@, kinds, MAX_INHERITANCE_HOPS as nat)
                    == find_up(
                    wi@,
                    current@,
                    member_name@,
                    kinds,
                    (MAX_INHERITANCE_HOPS - hop) as nat,
                ),
            decreases visited@.len() - k,
        {
            if str_eq(visited[k].as_str(), current.as_str()) {
                proof {
                    let path = views(visited@);
                    let back = k as int;
                    let next = Seq::new(
                        path.len(),
                        |j: int|
                            if j + 1 < path.len() {
                                j + 1
                            } else {
                                back
                            },
                    );
                    assert forall|j: int| 0 <= j < path.len() implies #[trigger] ascends(
                        wi@,
                        path[j],
                        member_name@,
                        kinds,
                        path[next[j]],
                    ) by {
                        assert(path[j] == visited@[j]@);
                        assert(path[next[j]] == visited@[next[j]]@);
                    }
                    lemma_closed_path(
                        wi@,
                        path,
                        next,
                        member_name@,
                        kinds,
                        back,
                        (MAX_INHERITANCE_HOPS - hop) as nat,
                    );
                }
                return None;
            }
            k = k + 1;
        }
        let class = match find_class(wi, current.as_str()) {
            Some(c) => c,
            None => {
                return None;
            },
        };
        match find_member_of(wi, class, member_name, kinds) {
            Some(e) => {
                return Some((current, e));
            },
            None => {},
        }
        match &class.symbol.parent_class_name {
            Some(parent) => {
                let next = parent.clone();
                let ghost prev = current@;
                assert(ascends(wi@, prev, member_name@, kinds, next@));
                visited.push(current);
                current = next;
            },
            None => {
                return None;
            },
        }
        hop = hop + 1;
    }
    None
}

/// The entry of a lookup that also names the declaring class.
pub open spec fn entry_of(o: Option<(Seq<char>, EntryView)>) -> Option<EntryView> {
    match o {
        Some((_, e)) => Some(e),
        None => None,
    }
}

/// The nearest declaration of `member` of the given kinds.
pub open spec fn inherited(
    ix: Seq<EntryView>,
    class: Seq<char>,
    member: Seq<char>,
    kinds: MemberKinds,
) -> Option<EntryView> {
    entry_of(find_up(ix, class, member, kinds, MAX_INHERITANCE_HOPS as nat))
}

/// The method `member` of a class, or, when there is none, its field.
pub open spec fn member(ix: Seq<EntryView>, class: Seq<char>, member: Seq<char>) -> Option<
    EntryView,
> {
    match inherited(ix, class, member, MemberKinds::Methods) {
        Some(e) => Some(e),
        None => inherited(ix, class, member, MemberKinds::Fields),
    }
}

/// The method `method_name` of a class or of a class above it.
pub fn find_method_in_class<'a>(
    wi: &'a WorkspaceIndex,
    class_name: &str,
    method_name: &str,
) -> (r: Option<&'a IndexEntry>)
    ensures
        opt_view(r) == inherited(wi@, class_name@, method_name@, MemberKinds::Methods),
{
    match find_member_in_class_chain(wi, class_name, method_name, MemberKinds::Methods) {
        Some((_, e)) => Some(e),
        None => None,
    }
}

/// The field `field_name` of a class or of a class above it.
pub fn find_field_in_class<'a>(
    wi: &'a WorkspaceIndex,
    class_name: &str,
    field_name: &str,
) -> (r: Option<&'a IndexEntry>)
    ensures
        opt_view(r) == inherited(wi@, class_name@, field_name@, MemberKinds::Fields),
{
    match find_member_in_class_chain(wi, class_name, field_name, MemberKinds::Fields) {
        Some((_, e)) => Some(e),
        None => None,
    }
}

/// The member `member_name` of a class: a method if there is one, else a field.
pub fn find_member<'a>(wi: &'a WorkspaceIndex, class_name: &str, member_name: &str) -> (r: Option<
    &'a IndexEntry,
>)
    ensures
        opt_view(r) == member(wi@, class_name@, member_name@),
{
    match find_method_in_class(wi, class_name, member_name) {
        Some(e) => Some(e),
        None => find_field_in_class(wi, class_name, member_name),
    }
}

// ---------------------------------------------------------------------------
// Chains
// ---------------------------------------------------------------------------

/// One step of a member-access chain such as `this.driver.get().item`.
#[derive(Debug, Clone, PartialEq, Eq)]
pub enum ChainSegment {
    /// A variable at the start of the chain.
    Root(String),
    /// `this` at the start of the chain.
    This,
    /// `super` at the start of the chain.
    Super,
    /// A field access.
    Member(String),
    /// A method call.
    MethodCall(String),
}

/// The mathematical value of a [`ChainSegment`].
pub enum SegmentView {
    Root(Seq<char>),
    This,
    Super,
    Member(Seq<char>),
    MethodCall(Seq<char>),
}

impl View for ChainSegment {
    type V = SegmentView;

    open spec fn view(&self) -> SegmentView {
        match self {
            ChainSegment::Root(n) => SegmentView::Root(n@),
            ChainSegment::This => SegmentView::This,
            ChainSegment::Super => SegmentView::Super,
            ChainSegment::Member(n) => SegmentView::Member(n@),
            ChainSegment::MethodCall(n) => SegmentView::MethodCall(n@),
        }
    }
}

/// The identifier of a segment; the keywords have none.
pub open spec fn segment_name(s: SegmentView) -> Option<Seq<char>> {
    match s {
        SegmentView::Root(n) => Some(n),
        SegmentView::Member(n) => Some(n),
        SegmentView::MethodCall(n) => Some(n),
        _ => None,
    }
}

impl ChainSegment {
    /// The identifier of the segment; the keywords have none.
    pub fn name(&self) -> (r: Option<&str>)
        ensures
            opt_view(r) == segment_name(self@),
    {
        match self {
            ChainSegment::Root(n) => Some(n.as_str()),
            ChainSegment::Member(n) => Some(n.as_str()),
            ChainSegment::MethodCall(n) => Some(n.as_str()),
            _ => None,
        }
    }
}

/// A member-access chain, and the segment of it that is asked about.
#[derive(Debug, Clone)]
pub struct MemberChain {
    pub segments: Vec<ChainSegment>,
    pub target_idx: usize,
}

/// The class around a position.
#[derive(Debug, Clone)]
pub struct ClassInfo {
    pub class_name: String,
    /// The class named in its `extends` clause.
    pub parent_class_name: Option<String>,
}

/// The mathematical value of a [`ClassInfo`].
pub struct ClassInfoView {
    pub class_name: Seq<char>,
    pub parent_class_name: Option<Seq<char>>,
}

impl View for ClassInfo {
    type V = ClassInfoView;

    open spec fn view(&self) -> ClassInfoView {
        ClassInfoView {
            class_name: self.class_name@,
            parent_class_name: opt_view(self.parent_class_name),
        }
    }
}

/// What the syntax tree says of the place where a chain stands.
#[derive(Debug, Clone)]
pub struct ChainScope {
    /// The declared type, as written, of the variable that the chain starts
    /// with.
    pub root_type: Option<String>,
    /// The class around the chain.
    pub class: Option<ClassInfo>,
}

/// The mathematical value of a [`ChainScope`].
pub struct ChainScopeView {
    pub root_type: Option<Seq<char>>,
    pub class: Option<ClassInfoView>,
}

impl View for ChainScope {
    type V = ChainScopeView;

    open spec fn view(&self) -> ChainScopeView {
        ChainScopeView { root_type: opt_view(self.root_type), class: opt_view(self.class) }
    }
}

/// Applies `m` to the value inside an option.
pub open spec fn normalized(
    o: Option<Seq<char>>,
    m: spec_fn(Seq<char>) -> Option<Seq<char>>,
) -> Option<Seq<char>> {
    match o {
        Some(t) => m(t),
        None => None,
    }
}

/// The class that a chain's first segment stands for.
pub open spec fn root_class(
    root: SegmentView,
    scope: ChainScopeView,
    m: spec_fn(Seq<char>) -> Option<Seq<char>>,
) -> Option<Seq<char>> {
    match root {
        SegmentView::Root(_) => normalized(scope.root_type, m),
        SegmentView::This => match scope.class {
            Some(c) => Some(c.class_name),
            None => None,
        },
        SegmentView::Super => match scope.class {
            Some(c) => c.parent_class_name,
            None => None,
        },
        _ => None,
    }
}

/// The type, as written, that a segment resolved to `sym` evaluates to. A call
/// has its return type and a field its declared type; each falls back on the
/// other.
pub open spec fn segment_type(seg: SegmentView, sym: SymbolView) -> Option<Seq<char>> {
    match seg {
        SegmentView::MethodCall(_) => match sym.return_type {
            Some(t) => Some(t),
            None => sym.decl_type,
        },
        _ => match sym.decl_type {
            Some(t) => Some(t),
            None => sym.return_type,
        },
    }
}

/// The declaration of segment `target`, when segment `i` is a member of the
/// class `class`.
pub open spec fn target_from(
    ix: Seq<EntryView>,
    segs: Seq<SegmentView>,
    class: Seq<char>,
    i: int,
    target: int,
    m: spec_fn(Seq<char>) -> Option<Seq<char>>,
) -> Option<EntryView>
    decreases target - i,
{
    match segment_name(segs[i]) {
        None => None,
        Some(name) => {
            let hit = member(ix, class, name);
            if i >= target {
                hit
            } else {
                match hit {
                    None => None,
                    Some(e) => match normalized(segment_type(segs[i], e.symbol), m) {
                        None => None,
                        Some(next) => target_from(ix, segs, next, i + 1, target, m),
                    },
                }
            }
        },
    }
}

/// The declaration that segment `target` of a chain refers to. The root itself
/// is not a member, and at most [`MAX_INTERMEDIATE_HOPS`] members may stand
/// between the root and the target.
pub open spec fn chain_target(
    ix: Seq<EntryView>,
    segs: Seq<SegmentView>,
    target: int,
    scope: ChainScopeView,
    m: spec_fn(Seq<char>) -> Option<Seq<char>>,
) -> Option<EntryView> {
    match root_class(segs[0], scope, m) {
        None => None,
        Some(class) => if target == 0 || target - 1 > MAX_INTERMEDIATE_HOPS {
            None
        } else {
            target_from(ix, segs, class, 1, target, m)
        },
    }
}

/// Resolves a chain to the declaration of its target segment.
///
/// `normalize` gives the class name that a type expression denotes, if it
/// denotes a class.
pub fn resolve_member_chain<'a, N: Fn(&str) -> Option<String>>(
    chain: &MemberChain,
    scope: &ChainScope,
    normalize: &N,
    wi: &'a WorkspaceIndex,
) -> (r: Option<&'a IndexEntry>)
    requires
        chain.target_idx < chain.segments@.len(),
        total(*normalize),
    ensures
        forall|m: spec_fn(Seq<char>) -> Option<Seq<char>>| #[trigger]
            answers(*normalize, m) ==> opt_view(r) == chain_target(
                wi@,
                views(chain.segments@),
                chain.target_idx as int,
                scope@,
                m,
            ),
{
    let ghost segs = views(chain.segments@);
    let ghost target = chain.target_idx as int;
    assert(segs[0] == chain.segments@[0]@);
    let root: String = match &chain.segments[0] {
        ChainSegment::Root(_) => match &scope.root_type {
            Some(raw) => match normalize(raw.as_str()) {
                Some(t) => t,
                None => {
                    return None;
                },
            },
            None => {
                return None;
            },
        },
        ChainSegment::This => match &scope.class {
            Some(c) => c.class_name.clone(),
            None => {
                return None;
            },
        },
        ChainSegment::Super => match &scope.class {
            Some(c) => match &c.parent_class_name {
                Some(p) => p.clone(),
                None => {
                    return None;
                },
            },
            None => {
                return None;
            },
        },
        _ => {
            return None;
        },
    };
    if chain.target_idx == 0 || chain.target_idx - 1 > MAX_INTERMEDIATE_HOPS {
        return None;
    }
    let mut current = root;
    let mut i: usize = 1;
    while i < chain.target_idx
        invariant
            1 <= i <= chain.target_idx < chain.segments@.len(),
            segs == views(chain.segments@),
            target == chain.target_idx,
            total(*normalize),
            forall|m: spec_fn(Seq<char>) -> Option<Seq<char>>| #[trigger]
                answers(*normalize, m) ==> chain_target(wi@, segs, target, scope@, m)
                    == target_from(wi@, segs, current@, i as int, target, m),
        decreases chain.target_idx - i,
    {
        let seg = &chain.segments[i];
        assert(segs[i as int] == seg@);
        let name = match seg.name() {
            Some(n) => n,
            None => {
                return None;
            },
        };
        let sym: &Symbol = match find_member(wi, current.as_str(), name) {
            Some(e) => &e.symbol,
            None => {
                return None;
            },
        };
        let raw = match type_of_segment(seg, sym) {
            Some(t) => t,
            None => {
                return None;
            },
        };
        match normalize(raw) {
            Some(t) => {
                current = t;
            },
            None => {
                return None;
            },
        }
        i = i + 1;
    }
    assert(segs[i as int] == chain.segments@[i as int]@);
    match chain.segments[i].name() {
        Some(n) => find_member(wi, current.as_str(), n),
        None => None,
    }
}

/// The type, as written, that a segment resolved to `sym` evaluates to.
fn type_of_segment<'a>(seg: &ChainSegment, sym: &'a Symbol) -> (r: Option<&'a str>)
    ensures
        opt_view(r) == segment_type(seg@, sym@),
{
    let is_call = match seg {
        ChainSegment::MethodCall(_) => true,
        _ => false,
    };
    let (preferred, fallback) = if is_call {
        (&sym.return_type, &sym.decl_type)
    } else {
        (&sym.decl_type, &sym.return_type)
    };
    match preferred {
        Some(t) => Some(t.as_str()),
        None => match fallback {
            Some(t) => Some(t.as_str()),
            None => None,
        },
    }
}

/// The segment that part `i` of a dotted receiver makes.
pub open spec fn receiver_segment(i: int, part: Seq<char>) -> SegmentView {
    if i > 0 {
        SegmentView::Member(part)
    } else if part == "this"@ {
        SegmentView::This
    } else if part == "super"@ {
        SegmentView::Super
    } else {
        SegmentView::Root(part)
    }
}

/// The segments of a dotted receiver, followed by a call of `method`.
pub open spec fn receiver_segments(recv: Seq<char>, method: Seq<char>) -> Seq<SegmentView> {
    split(recv, '.').map(|i: int, p: Seq<char>| receiver_segment(i, p)).push(
        SegmentView::MethodCall(method),
    )
}

/// The chain of a call of `method_name` on a dotted receiver.
pub fn build_chain_for_receiver(recv_chain: &str, method_name: &str) -> (r: MemberChain)
    ensures
        views(r.segments@) == receiver_segments(recv_chain@, method_name@),
        r.target_idx == r.segments@.len() - 1,
{
    let chars = to_chars(recv_chain);
    let pieces = split_char(&chars, '.');
    let ghost all = split(recv_chain@, '.').map(
        |i: int, p: Seq<char>| receiver_segment(i, p),
    );
    let mut segments: Vec<ChainSegment> = Vec::new();
    let mut i: usize = 0;
    while i < pieces.len()
        invariant
            i <= pieces@.len() == all.len(),
            parts(pieces@) == split(recv_chain@, '.'),
            all == split(recv_chain@, '.').map(
                |i: int, p: Seq<char>| receiver_segment(i, p),
            ),
            views(segments@) == all.take(i as int),
        decreases pieces@.len() - i,
    {
        let piece = pieces[i];
        assert(parts(pieces@)[i as int] == piece@);
        let seg = if i > 0 {
            ChainSegment::Member(to_text(piece))
        } else if is_text(piece, "this") {
            ChainSegment::This
        } else if is_text(piece, "super") {
            ChainSegment::Super
        } else {
            ChainSegment::Root(to_text(piece))
        };
        proof {
            lemma_views_push(segments@, seg);
            assert(all.take(i + 1) =~= all.take(i as int).push(seg@));
        }
        segments.push(seg);
        i = i + 1;
    }
    assert(all.take(all.len() as int) =~= all);
    let call = ChainSegment::MethodCall(copy_str(method_name));
    proof {
        lemma_views_push(segments@, call);
    }
    segments.push(call);
    let target_idx = segments.len() - 1;
    MemberChain { segments, target_idx }
}

// ---------------------------------------------------------------------------
// Laws
// ---------------------------------------------------------------------------

/// The name of the `i`-th class of an inheritance chain: the class itself, the
/// class it extends, and so on.
pub open spec fn ancestor(ix: Seq<EntryView>, class: Seq<char>, i: nat) -> Option<Seq<char>>
    decreases i,
{
    if i == 0 {
        Some(class)
    } else {
        match class_entry(ix, class) {
            None => None,
            Some(c) => match c.symbol.parent_class_name {
                None => None,
                Some(p) => ancestor(ix, p, (i - 1) as nat),
            },
        }
    }
}

/// What the `i`-th class of an inheritance chain itself declares as `member`.
pub open spec fn declared_at(
    ix: Seq<EntryView>,
    class: Seq<char>,
    member: Seq<char>,
    kinds: MemberKinds,
    i: nat,
) -> Option<EntryView> {
    match ancestor(ix, class, i) {
        None => None,
        Some(name) => match class_entry(ix, name) {
            None => None,
            Some(c) => member_of(ix, c, member, kinds),
        },
    }
}

/// The nearest declaration wins: a lookup returns what the `i`-th class of the
/// chain declares exactly when no class below it declares the member, and it
/// returns nothing exactly when none of the first `hops` classes does.
pub proof fn lemma_nearest_wins(
    ix: Seq<EntryView>,
    class: Seq<char>,
    member: Seq<char>,
    kinds: MemberKinds,
    hops: nat,
)
    ensures
        match find_up(ix, class, member, kinds, hops) {
            None => forall|i: nat|
                i < hops ==> #[trigger] declared_at(ix, class, member, kinds, i) is None,
            Some((c, e)) => exists|i: nat|
                {
                    &&& i < hops
                    &&& #[trigger] declared_at(ix, class, member, kinds, i) == Some(e)
                    &&& ancestor(ix, class, i) == Some(c)
                    &&& forall|k: nat|
                        k < i ==> #[trigger] declared_at(ix, class, member, kinds, k) is None
                },
        },
    decreases hops,
{
    if hops > 0 {
        match class_entry(ix, class) {
            None => {
                assert forall|i: nat| i < hops implies #[trigger] declared_at(
                    ix,
                    class,
                    member,
                    kinds,
                    i,
                ) is None by {}
            },
            Some(c) => {
                assert(declared_at(ix, class, member, kinds, 0) == member_of(ix, c, member, kinds));
                if member_of(ix, c, member, kinds) is None {
                    match c.symbol.parent_class_name {
                        None => {
                            assert forall|i: nat| i < hops implies #[trigger] declared_at(
                                ix,
                                class,
                                member,
                                kinds,
                                i,
                            ) is None by {
                                if i > 0 {
                                    assert(ancestor(ix, class, i) is None);
                                }
                            }
                        },
                        Some(p) => {
                            lemma_nearest_wins(ix, p, member, kinds, (hops - 1) as nat);
                            assert forall|i: nat| 0 < i implies #[trigger] declared_at(
                                ix,
                                class,
                                member,
                                kinds,
                                i,
                            ) == declared_at(ix, p, member, kinds, (i - 1) as nat) by {
                                assert(ancestor(ix, class, i) == ancestor(ix, p, (i - 1) as nat));
                            }
                            match find_up(ix, p, member, kinds, (hops - 1) as nat) {
                                None => {},
                                Some((cn, e)) => {
                                    let j = choose|i: nat|
                                        {
                                            &&& i < hops - 1
                                            &&& #[trigger] declared_at(ix, p, member, kinds, i)
                                                == Some(e)
                                            &&& ancestor(ix, p, i) == Some(cn)
                                            &&& forall|k: nat|
                                                k < i ==> #[trigger] declared_at(
                                                    ix,
                                                    p,
                                                    member,
                                                    kinds,
                                                    k,
                                                ) is None
                                        };
                                    assert(declared_at(ix, class, member, kinds, j + 1) == Some(e));
                                    assert(ancestor(ix, class, j + 1) == Some(cn));
                                },
                            }
                        },
                    }
                }
            },
        }
    }
}

} // verus!
