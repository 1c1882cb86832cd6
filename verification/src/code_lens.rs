//! "Overrides" lenses: above a method that overrides one of a class further up,
//! a link to the overridden method.

use vstd::prelude::*;

use crate::chain_resolve::{
    find_member_in_class_chain, find_up, MemberKinds, MAX_INHERITANCE_HOPS,
};
use crate::document::{covers, Position, Range};
use crate::model::{first, has_text, lemma_first_at_is, lemma_views_push, opt_view, views};
use crate::symbols::{EntryView, Symbol, SymbolKind, SymbolView, WorkspaceIndex};
use crate::text::{copy_str, is_text, lowered, to_chars, to_lower};

verus! {

/// The command that a lens runs in the editor.
pub const GOTO_COMMAND: &'static str = "mimir.gotoLocation";

/// Which methods get a lens.
#[derive(Debug, Clone, Copy, PartialEq, Eq, Structural)]
pub enum OverrideLensMode {
    /// None.
    Off,
    /// The phase methods of UVM.
    Uvm,
    /// All methods.
    All,
}

impl Default for OverrideLensMode {
    fn default() -> (r: Self)
        ensures
            r == OverrideLensMode::Uvm,
    {
        OverrideLensMode::Uvm
    }
}

/// The mode with this name, in any case; UVM for any other name.
pub open spec fn lens_mode(s: Seq<char>) -> OverrideLensMode {
    let name = lowered(s);
    if name == "all"@ {
        OverrideLensMode::All
    } else if name == "none"@ || name == "off"@ || name == "false"@ {
        OverrideLensMode::Off
    } else {
        OverrideLensMode::Uvm
    }
}

impl OverrideLensMode {
    /// The mode with this name.
    pub fn from_config_str(s: &str) -> (r: Self)
        ensures
            r == lens_mode(s@),
    {
        let c = to_chars(s);
        let name = to_lower(&c);
        if is_text(&name, "all") {
            OverrideLensMode::All
        } else if is_text(&name, "none") || is_text(&name, "off") || is_text(&name, "false") {
            OverrideLensMode::Off
        } else {
            OverrideLensMode::Uvm
        }
    }
}

/// A link above a method. Its command gets the file and the place of the
/// overridden method.
#[derive(Debug, Clone, PartialEq, Eq)]
pub struct CodeLens {
    /// Where the name of the method stands.
    pub range: Range,
    /// What the link says.
    pub title: String,
    /// The command that it runs.
    pub command: String,
    /// The file of the overridden method.
    pub target_uri: String,
    /// Where its name starts.
    pub target: Position,
}

/// A link above a method.
pub struct LensView {
    pub range: Range,
    pub title: Seq<char>,
    pub command: Seq<char>,
    pub target_uri: Seq<char>,
    pub target: Position,
}

impl View for CodeLens {
    type V = LensView;

    open spec fn view(&self) -> LensView {
        LensView {
            range: self.range,
            title: self.title@,
            command: self.command@,
            target_uri: self.target_uri@,
            target: self.target,
        }
    }
}

/// Accepts the classes whose text holds the name of the method.
pub open spec fn class_around(method: SymbolView) -> spec_fn(SymbolView) -> bool {
    |c: SymbolView| c.kind == SymbolKind::Class && covers(c.full_range, method.name_range)
}

/// Whether a method gets a lens if it overrides another.
pub open spec fn shown(mode: OverrideLensMode, phases: Seq<Seq<char>>, name: Seq<char>) -> bool {
    match mode {
        OverrideLensMode::Off => false,
        OverrideLensMode::Uvm => phases.contains(name),
        OverrideLensMode::All => true,
    }
}

/// The nearest method that a method of the file `file` overrides, and the class
/// that declares it.
pub open spec fn overridden(
    file: Seq<SymbolView>,
    ix: Seq<EntryView>,
    method: SymbolView,
) -> Option<(Seq<char>, EntryView)> {
    match first(file, class_around(method)) {
        Some(class) => match class.parent_class_name {
            Some(parent) => find_up(
                ix,
                parent,
                method.name,
                MemberKinds::Methods,
                MAX_INHERITANCE_HOPS as nat,
            ),
            None => None,
        },
        None => None,
    }
}

/// The lens above a method that overrides the method `target` of class `base`.
pub open spec fn lens_for(method: SymbolView, base: Seq<char>, target: EntryView) -> LensView {
    LensView {
        range: method.name_range,
        title: "▷ overrides "@ + base + "::"@ + method.name,
        command: GOTO_COMMAND@,
        target_uri: target.url,
        target: target.symbol.name_range.start,
    }
}

/// The lens of a declaration, if it gets one.
pub open spec fn lens_of(
    file: Seq<SymbolView>,
    ix: Seq<EntryView>,
    mode: OverrideLensMode,
    phases: Seq<Seq<char>>,
    symbol: SymbolView,
) -> Option<LensView> {
    if symbol.kind == SymbolKind::Method && shown(mode, phases, symbol.name) {
        match overridden(file, ix, symbol) {
            Some((base, target)) => Some(lens_for(symbol, base, target)),
            None => None,
        }
    } else {
        None
    }
}

/// The lenses of the first `n` declarations of a file.
pub open spec fn lenses(
    file: Seq<SymbolView>,
    ix: Seq<EntryView>,
    mode: OverrideLensMode,
    phases: Seq<Seq<char>>,
    n: int,
) -> Seq<LensView>
    decreases n,
{
    if n <= 0 {
        Seq::empty()
    } else {
        let before = lenses(file, ix, mode, phases, n - 1);
        match lens_of(file, ix, mode, phases, file[n - 1]) {
            Some(l) => before.push(l),
            None => before,
        }
    }
}

/// The class around a method.
fn find_class_around<'a>(index: &'a [Symbol], method: &Symbol) -> (r: Option<&'a Symbol>)
    ensures
        opt_view(r) == first(views(index@), class_around(method@)),
{
    let ghost all = views(index@);
    let mut i: usize = 0;
    while i < index.len()
        invariant
            all == views(index@),
            i <= index@.len(),
            forall|k: int| 0 <= k < i ==> !class_around(method@)(#[trigger] all[k]),
        decreases index@.len() - i,
    {
        let c = &index[i];
        assert(all[i as int] == c@);
        if c.kind == SymbolKind::Class && c.full_range.contains_range(method.name_range) {
            proof {
                lemma_first_at_is(all, class_around(method@), 0, i as int);
            }
            return Some(c);
        }
        i = i + 1;
    }
    proof {
        lemma_first_at_is(all, class_around(method@), 0, i as int);
    }
    None
}

/// The lens above a method that overrides the method `target` of class `base`.
fn make_lens(method: &Symbol, base_class: &str, target_url: &str, target: &Symbol) -> (r: CodeLens)
    ensures
        r@ == lens_for(
            method@,
            base_class@,
            (EntryView { url: target_url@, symbol: target@ }),
        ),
{
    let mut title = copy_str("▷ overrides ");
    title.push_str(base_class);
    title.push_str("::");
    title.push_str(method.name.as_str());
    CodeLens {
        range: method.name_range,
        title,
        command: copy_str(GOTO_COMMAND),
        target_uri: copy_str(target_url),
        target: target.name_range.start,
    }
}

/// The lenses of a file, whose declarations are `index`. `phases` are the phase
/// methods of UVM.
pub fn override_lenses(
    index: &[Symbol],
    wi: &WorkspaceIndex,
    mode: OverrideLensMode,
    phases: &Vec<String>,
) -> (r: Vec<CodeLens>)
    ensures
        views(r@) == lenses(views(index@), wi@, mode, views(phases@), index@.len() as int),
{
    let ghost file = views(index@);
    let mut out: Vec<CodeLens> = Vec::new();
    let mut i: usize = 0;
    assert(views(out@) =~= Seq::empty());
    while i < index.len()
        invariant
            file == views(index@),
            i <= index@.len(),
            views(out@) == lenses(file, wi@, mode, views(phases@), i as int),
        decreases index@.len() - i,
    {
        let method = &index[i];
        assert(file[i as int] == method@);
        let wanted = match mode {
            OverrideLensMode::Off => false,
            OverrideLensMode::Uvm => has_text(phases, method.name.as_str()),
            OverrideLensMode::All => true,
        };
        if method.kind == SymbolKind::Method && wanted {
            match find_class_around(index, method) {
                Some(class) => match &class.parent_class_name {
                    Some(parent) => {
                        match find_member_in_class_chain(
                            wi,
                            parent.as_str(),
                            method.name.as_str(),
                            MemberKinds::Methods,
                        ) {
                            Some((base, entry)) => {
                                let lens = make_lens(
                                    method,
                                    base.as_str(),
                                    entry.url.as_str(),
                                    &entry.symbol,
                                );
                                proof {
                                    lemma_views_push(out@, lens);
                                }
                                out.push(lens);
                            },
                            None => {},
                        }
                    },
                    None => {},
                },
                None => {},
            }
        }
        i = i + 1;
    }
    out
}

/// A file gets at most one lens for each of its methods, and none when lenses
/// are switched off.
pub proof fn lemma_lenses(
    file: Seq<SymbolView>,
    ix: Seq<EntryView>,
    mode: OverrideLensMode,
    phases: Seq<Seq<char>>,
    n: int,
)
    requires
        0 <= n <= file.len(),
    ensures
        lenses(file, ix, mode, phases, n).len() <= n,
        mode == OverrideLensMode::Off ==> lenses(file, ix, mode, phases, n).len() == 0,
        forall|k: int|
            0 <= k < lenses(file, ix, mode, phases, n).len() ==> exists|i: int|
                0 <= i < n && lens_of(file, ix, mode, phases, #[trigger] file[i]) == Some(
                    #[trigger] lenses(file, ix, mode, phases, n)[k],
                ),
    decreases n,
{
    if n > 0 {
        lemma_lenses(file, ix, mode, phases, n - 1);
        let before = lenses(file, ix, mode, phases, n - 1);
        let after = lenses(file, ix, mode, phases, n);
        assert forall|k: int| 0 <= k < after.len() implies exists|i: int|
            0 <= i < n && lens_of(file, ix, mode, phases, #[trigger] file[i]) == Some(
                #[trigger] after[k],
            ) by {
            if k < before.len() {
                assert(after[k] == before[k]);
                let i = choose|i: int|
                    0 <= i < n - 1 && lens_of(file, ix, mode, phases, #[trigger] file[i]) == Some(
                        before[k],
                    );
                assert(lens_of(file, ix, mode, phases, file[i]) == Some(after[k]));
            } else {
                assert(lens_of(file, ix, mode, phases, file[n - 1]) == Some(after[k]));
            }
        }
    }
}

} // verus!
